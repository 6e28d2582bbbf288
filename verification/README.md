# pview

A terminal monitor for a single process: live CPU and memory graphs, disk
I/O rates and session totals, storage of the executable's disk, and an
interactive, fuzzy-searchable process picker.

The library under `src/` holds the monitor's state and decisions, verified
with Verus:

- `app` — the dashboard state: readings, peaks, session totals, bounded graph
  histories and the hour-long memory-trend buffer; key handling.
- `picker` — the picker: name-sorted snapshot (stable, case-insensitive),
  group-root marking, fuzzy filtering, selection kept across refreshes,
  scrolling window and row texts.
- `process` — resolving a PID or an exact, case-insensitive name.
- `monitor` — one reading, and the disk whose mount point holds the
  executable.
- `ui` — formatting (durations, times of day, sizes, paths) and graph and bar
  layout.
- `cli`, `config`, `text`, `names`, `input` — arguments and the interval
  parser, settings, decimal text, name ordering, keys.

`app/` is the program around it: argument parsing, reading the system,
the terminal loops and the drawing, and the floating-point CPU and disk-rate
values.
