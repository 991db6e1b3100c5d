# stormcell

Adaptive-resolution grids for simulations, verified with Verus.

A grid is an array of equally sized chunks, each the root of a quadtree (2D) or
octree (3D) of cells. Uniform regions are one coarse cell; only where values
differ are cells subdivided, down to unit cells. Simulation steps are rules that
are run over a whole grid and produce a new one.

| Path | Content |
| --- | --- |
| `src/geometry.rs`, `src/tree.rs` | the mathematics that contracts are written in |
| `src/allocator.rs` | the paged arena that holds the cells |
| `src/topology.rs` | dimensionality and coordinate arithmetic |
| `src/grid.rs`, `src/grid/` | the grid and the ways to read it |
| `src/quantizer.rs`, `src/quantizer/` | rules, what they work with, and adapters |
| `src/pipeline.rs` | running a rule over a grid |
| `src/changes.rs`, `src/changes/` | staged edits and their application |
| `src/laws/` | what holds across operations |
| `src/life.rs` | the Game of Life as a rule |
| `app/` | standard traits and demonstration programs |

## Writing a rule

Implement `Quantizer` for a type: `quantize` looks at one cell through its
`CellContext` and emits what takes its place. A rule that is to be verified also
says in `yields` which trees it may emit, in `spends` how many cells that leaves
in the arena, in `fits` how much room it takes on the way, and in `caches` what
its sampling does to the leaf cache.

## What is exact

Cells merge when their values are homogeneous, so a transformation is exact up
to homogeneity. The laws about values are stated for any equivalence that
contains it; where homogeneous values are equal, they are exact.
