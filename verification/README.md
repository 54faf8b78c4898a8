# vackrooms

A verified generator for endless office levels: voxel grids and octrees, flood-fill
light, meshes, traversal gates and their state, region plans, and the columns that
plans are turned into.

- `src/domain`: grids, octrees, blueprints, anomalies and their ledgers, plan types,
  and comparisons on the bits of 32-bit floats.
- `src/adapters`: meshes and packed texels.
- `src/use_cases`: the office generator, the region planner, the anomaly planner and
  the level's columns.
- `tests`: examples on concrete values.
- `app`: what is measured in floating point. It hands the library measured values,
  as bits or voxel counts, and the library decides.

Random numbers come from the `rand` crate; `src/use_cases/chunk/draws.rs` states what
is believed of it.
