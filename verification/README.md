# libreda_db

A database for VLSI physical design — cell hierarchies, netlists, layers and
layout shapes — written in Verus. The operations carry contracts over an
abstract view of the data, and Verus proves the code against them. The
exceptions are the wrappers around borrowed containers in `src/ref_wrapper.rs`,
which hand out what lies behind a `Ref` and state nothing about it.

Layout:

- `src/chip.rs`: the `Chip` data structure. `ChipView` is the abstract view of
  the netlist (cells, instances, pins, pin instances, nets) and
  `ChipView::inv` its invariant: objects refer to each other consistently,
  names are unique and the cell hierarchy has no recursion. `LayersView` and
  `ShapesView` describe the layers and the shapes with their links to nets and
  pins. Every operation keeps the invariants and states how it changes the views,
  including the hierarchy and netlist utilities (pruning cells, purging nets,
  replacing nets, flattening instances, naming nets). Flattening states where
  every net of the flattened cell goes: into the net that the instance's pin
  was connected to, into the constant nets, or into a new net named as the
  source where that name is free.
- `src/flat_view.rs`: a view of a hierarchy as if it were flattened, with
  instances named by their paths.
- `src/layout/algorithms.rs`: decomposition of rectilinear polygons into
  non-overlapping rectangles, proved to cover exactly the points around which
  the polygons wind, each rectangle as wide as the interior allows and closed
  on its right by one edge, listed by their right edges. The
  coordinates are sorted by `itertools`, behind a wrapper with its contract.
- `src/netlist/util.rs`: a human readable text of the netlist.
- `src/index.rs`, `src/index_map.rs`: typed integer identifiers and a map that
  hands out fresh keys and reuses free slots.
- `src/fnv_collections.rs`, `src/geometry.rs`, `src/ref_wrapper.rs`,
  `src/profile.rs`, and the `Arc` wrapper in `src/rc_string.rs`: the trusted
  boundary to the `fnv` and `iron_shapes` crates and to parts of the standard
  library, each item with its contract.
- `tests/`: executable tests of the library.
- `app/`: display and timing helpers that need traits Verus does not support.
