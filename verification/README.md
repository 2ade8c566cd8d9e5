# mac-dir-stat

A treemap disk-usage viewer for macOS. The logic is a Verus-verified
library; the window, the disk walk and other side effects are a thin
program around it.

## Layout

- `src/` — the verified library.
  - `scanner/tree.rs`: the file tree (an arena of nodes with interned
    names), size and count totals, removal, partial refresh by grafting a
    fresh scan, paths, per-extension statistics.
  - `scanner/walk.rs`: the walk's decisions — which paths to skip, where an
    entry hangs in the tree, the free and unseen space of a volume.
  - `cleanup.rs`: cleanup suggestions by path rules.
  - `treemap/color.rs`: colours by extension and by age.
  - `ui/`: the orders of the directory tree and of the file-type list, and
    which treemap cells are dimmed.
  - `state.rs`: the saved settings file, read and written.
  - `flywheel.rs`: the telemetry client's state and decisions, timestamps
    and ids.
  - `paths.rs`, `sorting.rs`, `text.rs`, `clock.rs`: byte paths, sorting,
    text conversions, the system clock.
- `tests/`: tests of the library.
- `app/`: the egui program, the jwalk scanner thread, Finder and Trash
  calls, file and network I/O, and the floating-point layout of the treemap.

Verify with Verus on `src/lib.rs`; the tests run against the compiled
library.
