# olivaw-slam

2D lidar SLAM with machine-checked contracts, in Rust and Verus.

Feed it lidar scans; it produces a consistent occupancy-grid map and a pose
estimate. The pipeline: preprocess (range gate, outlier rejection, voxel
subsampling), correlative scan matching against the accumulated grid, keyframes
and a pose graph, loop closure (candidate search, wide-window verification, a
speculative optimization that is kept only if the loop edge stays consistent).
Every layer is independently usable.

## Layout

- `src/` is the library, every item of it verified.
  - `float`, `convert`: IEEE values as bit patterns; order, clamping, exact floor.
  - `numerics`: the operations that round, as an interface.
  - `pose`, `scan`, `matrix`, `order`, `error`: basic types.
  - `algebra`: the laws of rigid motions, up to rounding.
  - `preprocess`, `grid`, `matcher`, `graph`, `loop_closure`: the layers.
  - `slam`, `state`: the whole system and the frame of its saved states.
- `app/` runs the library on a machine: floating-point hardware, nalgebra, kiddo
  and factrs behind the interface, files, threads and error texts.
- `tests/` runs both the exact parts and the whole pipeline.

## How numbers are specified

Contracts name the results of rounding operations: `sum::<N>(a, b)` is what
`N::plus` returns. They hold for every implementation `N` that gives one result
for given operands (`deterministic::<N>()`); nothing else is assumed of it. The
graph solver is not even assumed to do that: contracts hold for every answer it
may give. Laws about the numbers themselves (the pose algebra, what the distance
transform measures) stand under premises that say how far single operations may
round. Everything that does not round (cells, lines, orders, decisions,
bookkeeping, frames) is specified without any condition.

## Units

Metres and radians, everywhere. Angles are `(-π, π]`, counter-clockwise positive,
in an x-forward, y-left frame.
