# rust_os

The verified core of a small x86_64 system: a UEFI loader that reads the
firmware memory map, loads an ELF64 kernel, builds its page tables and hands it
control, and a higher-half kernel with a bitmap page-frame allocator and
four-level address spaces.

## Layout

- `src/` — the library, verified with Verus:
  - `memory/map.rs`, `memory/bitmap.rs` — memory regions and the bitmap
    allocator (allocation of the first free run at or after the last search
    position, wrapping to page 0; freeing; initialisation from a map or a boot
    snapshot);
  - `memory/paging/` — entry formats, the table memory and its walk, mapping
    and unmapping, address spaces, kernel templates and process spaces;
  - `boot/` — firmware memory descriptors and the hand-off structure;
  - `loader/` — ELF parsing, kernel placement, the early memory layout, the
    loader's page-table builder and the hand-off;
  - `arch/`, `kernel/`, `console.rs`, `bytes.rs` — descriptor layouts, the
    runtime image copy, number formatting and little-endian reads.
- `tests/` — tests of the library.
- `app/` — the entry points and everything that talks to firmware or devices:
  port I/O, UEFI calls, writing tables and the hand-off into physical memory.

Page tables are modelled as a table memory (a map from table addresses to
their 512 entries) that the paging code reads and writes; the loader writes the
pages it built into physical memory.
