# memtrace

Reads the memory map of a Linux process from `/proc/<pid>/smaps` and shows
each mapping with its resident size (RSS), proportional share (PSS), private
dirty pages and access flags, flagging mappings that are readable, writable
and executable at once.

Layout:

- `src/` is the verified library.
  - `text.rs`: the character-level rules (Unicode whitespace, lines, words,
    trimming, unsigned numbers in base 10 and 16, decimal notation), each
    stated over `Seq<char>` and implemented in one pass.
  - `parser.rs`: the smaps format as spec functions (`lines`, `blocks`,
    `header_fields`, `stats`, `classify`, `region_of`, `smaps_regions`), the
    functions that read it, and the laws of the format.
  - `types.rs`: `MemoryRegion`, `Permissions`, `RegionType` and the
    mathematical model of a region.
  - `summary.rs`: the `rwxp` column, the label column and the totals.
  - `app.rs`: the state of the interactive view and the laws of its
    selection.
  - `watch.rs`: the decisions of watch mode and its laws.
- `app/` is the program around it: argument handling, reading the file,
  printing, the Ctrl+C handler and the terminal UI.
- `tests/` runs the library on concrete inputs and compares its text rules
  with the standard library's.
