# sparreal

A verified core for a small kernel: a generic multi-level page table, the
walk over its entries, the scatter list of a streaming DMA mapping, and the
early boot mappings. The library is written in Verus. Its own functions
carry contracts that Verus proves; the few functions that call into
`heapless` (the fixed-capacity walk stack) and `num_align` (address
alignment) are trusted: Verus takes their contracts as given, and they are
marked `#[verifier::external_body]` or stated with `assume_specification`.

Levels are numbered from the leaf: level 1 tables hold the entries of single
pages, and the root table sits at the highest level.

- `src/layout.rs` — the constants of a page-table format and the index and
  address arithmetic on them.
- `src/table.rs` — the page table: frames taken from a reserved physical
  area, `map`, and the model (`map_range`, `translate`, `lookup`) it is
  proved against; each frame carries the first address its table stands
  for, which bounds what a write can change; the frames can be read back to
  write them to memory.
- `src/walker.rs` — the depth-first walk over the entries, with its step
  model (`walk_next`) and the proofs that a walk from the root finds every
  mapping, in increasing address order, each at its own address.
- `src/dma.rs` — splitting a buffer into the pieces of a DMA mapping.
- `src/boot.rs` — the boot mappings, the memory-map configuration, and the
  choices made while the firmware hands over.
- `app/` — the code around the library that talks to the machine: console,
  UEFI entry, the DMA platform calls, and turning on the MMU.
- `tests/` — tests of the library on concrete values.
