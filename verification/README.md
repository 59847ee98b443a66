# typst_spatial

Layout intelligence and compilation resource budgets for a typesetting
pipeline, written in Verus: the functions in `src/` carry contracts that
Verus proves, apart from a few small trusted wrappers around std and the
`eisenstein` crate, whose contracts are taken on trust.

## Layout

- `src/` — the verified library
  - `text.rs` — white space, trimming, digit strings, decimal rendering, and
    the few std text functions the parsers use
  - `number_text.rs` — number texts as a float parser reads them (sign,
    mantissa, exponent, `inf`, `nan`), with exact decimal values
  - `budget.rs` — time spans, budgets, and the `--budget` text format
  - `guardian.rs` — escalation phases, the resource guardian, snapshots,
    the status line, and the conservation counter
  - `lattice.rs` — points of the Eisenstein (A₂) lattice and hex disks,
    through the `eisenstein` crate
  - `grid_snap.rs` — the integer parts of the hex grid: coordinates, cell
    counts and packing cell totals
  - `spiral.rs` — the hexagonal spiral on which pages are placed
  - `page_graph.rs` — documents as page graphs on the lattice
  - `structure.rs` — adjacency matrices, degrees, connected components and
    bridge pages
  - `sweep_cut.rs` — prefix cuts of a vertex order and the one of least
    conductance
  - `report.rs` — the report text that does not involve floating point
- `tests/` — tests of the library
- `app/` — the parts that stay in ordinary Rust: floating-point snapping,
  packing ratios and spectral analysis (`snapkit`, `nalgebra`), report
  assembly and display, serde records, and a shared guardian for threads
