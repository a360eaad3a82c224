# memview

Inspects the memory layout of a running process: the virtual memory areas
that `/proc/<pid>/maps` lists, the physical address of each area's first
page (from `/proc/<pid>/pagemap`), and live updates shown as line diffs
between successive snapshots in a terminal viewer.

## Layout

- `src/` is the verified library (Verus):
  - `text.rs`: whitespace splitting, hexadecimal and decimal numerals,
    column padding;
  - `units.rs`: byte sizes as the listing shows them, page rounding;
  - `maps.rs`: reading the lines of a maps listing into segments;
  - `pagemap.rs`: translating an address through a pagemap entry;
  - `info.rs`: snapshots, their texts, recording a history of changed
    snapshots, and diffs between them;
  - `diff_view.rs`: line diffs (through the `diff` crate) and their colours;
  - `navigation.rs`: what each key of the viewer does;
  - `header.rs`: the header line naming the process, and which process
    a lookup by name reports.
- `app/` is the program around it: command line, process lookup, reading
  `/proc`, the refresh thread and the terminal user interface.
- `tests/` runs the library on concrete inputs.
