# wasm_split

Splits a WebAssembly program into a main module and modules that are loaded later.

The program declares its split points by pairs of imports and exports. The library reads the symbols
and relocations that the linker leaves in the program, finds out which functions, data, globals,
tables, tags and memories depend on which, decides into which module each of them goes, and writes the
script that loads the modules. All of this is verified with Verus: every function states what it
returns, and the proofs are part of the source.

## Layout

- `src/`: the library.
  - `graph_utils/`: strongly connected components in topological order (Tarjan's algorithm), with the
    invariants of the search and what repeated searches find together.
  - `reloc/`: reading symbols and relocations, finding and applying relocations, encoding values.
  - `func_relocs.rs`, `stubs.rs`, `data_deps.rs`, `dep_graph.rs`: which parts depend on which.
  - `split_point/`: split points, what each module starts from, and the contents of the modules.
  - `js.rs`: the script that links modules.
  - `data_laws.rs`, `dep_laws.rs`, `graph_utils/laws.rs`, `reloc/laws.rs`, `split_point/laws.rs`: what
    holds of every program.
  - `wasm.rs`, `sort.rs`: what is taken from the reader of the binary format and from the standard
    library, with what is believed of it. The pattern matching of `split_point/points.rs` and two small
    items in `text.rs` and `stubs.rs` are of the same kind.
  - `keyed.rs`, `names.rs`, `name_map.rs`, `order.rs`, `text.rs`, `util.rs`: sets, maps, orders, texts
    and searches.
- `tests/`: tests of the compiled library.
- `app/`: ordinary Rust around the library: conversions from the reader of the binary format, traces,
  warnings, error messages and files.

## Main guarantees

- Each part that some module needs is in exactly one module (`lemma_placed_once`,
  `lemma_nothing_lost`).
- What a part depends on is loaded whenever the part is loaded (`lemma_loaded_together`,
  `lemma_loader_complete`), and what a module uses of another one is listed
  (`lemma_dependencies_available`, `lemma_shared_elsewhere`).
- The main module depends on nothing outside of it (`lemma_main_closed`).
- Functions and data depend on everything that their relocations refer to (`lemma_func_depends`,
  `lemma_data_depends`), and overlapping data depend on each other (`lemma_overlap_depends`,
  `lemma_shared_bytes_depend`).
- Applying relocations changes only the bytes that they name (`lemma_unnamed_bytes`), and what is
  written can be read back (`lemma_leb_round_trip`, `lemma_le_round_trip`).
