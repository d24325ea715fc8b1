# fluid_sim

The integer core of a particle fluid solver (smoothed-particle hydrodynamics
and position-based fluids), verified with Verus.

- `src/counting.rs`: counting over bucket keys and the stable rank of each
  element, with the lemmas that make the rank a bijection.
- `src/grid.rs`: `NeighborGrid`, the cubic cell grid. `neighbor_sort` is a
  stable counting sort of the particles by cell; `local_iter` lists the slots
  of the particles in the 27 cells around a cell; `gather` moves particle data
  into sorted order. The `law_*` proof functions state what the sort and the
  neighbour query guarantee together.
- `src/lattice.rs`: the lattice of integer offsets that the rest density is
  summed over.
- `app/lib.rs`: the solver exported with `wasm_bindgen`; all of its physics is
  floating point and calls the library for the grid.
