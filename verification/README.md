# mill_core

Core of a 2D tumbling ball-mill simulator (grinding media as position-based rigid discs, slurry
as Position Based Fluids), split into a verified library and the simulator around it.

- `src/` is the library, verified with Verus. It holds the parts of the simulator that compute
  on integers:
  - `rng`: the deterministic xorshift64* generator (seeding, state step, output), with proofs
    that its state and outputs are never zero.
  - `grid`: the cell bookkeeping of the uniform-grid broadphase: bucketing point indices by
    integer cell, enumerating candidate pairs of same-or-adjacent cells, and neighbourhood
    queries, with proofs (`grid_laws`) that every candidate pair (and every neighbourhood
    point) is reported exactly once for every grid, cells at the edge of the `i32` range
    included, and in an order that depends only on the buckets.
  - `surface`: the marching-squares topology of the free-surface extraction: cell cases, their
    segments as pairs of grid edges, and the chaining of segments into polylines, with proofs
    that each cell's segments end on exactly its straddling sides and that every polyline is a
    connected path of segments (`surface_laws`), and that when no border grid point exceeds the
    threshold the segments form disjoint cycles and every polyline closes (`contour_laws`).
  - `contacts`: the deterministic ordering of the ball solver's contact records (sorted by
    key, a permutation of the input).
  - `params`: the discrete parameter choices, and the range checks of the simulation
    parameters in the order they are validated.
- `app/` is the simulator around it: the `f32` physics (DEM, PBF, coupling, drum geometry,
  metrics, the free-surface field), the `serde` parameter and metric JSON, and the
  `wasm-bindgen` wrapper. It calls the library for the parts above.
- `tests/` exercises the library.
