# jst

A two-dimensional compressible Navier-Stokes solver for O-type structured
meshes: cell-centred finite volumes, JST scalar artificial dissipation, the
Spalart-Allmaras one-equation turbulence model and explicit five-stage
Runge-Kutta time marching to a steady state.

## Layout

* `src/` is the verified library (Verus). It holds what the solver decides
  with indices, counts and text:
  * `field` - halo-indexed two-dimensional storage (`Field<T>`), its offset
    arithmetic, read-after-write, mutable cell and row access and row-major
    iteration;
  * `text`, `mesh` - the mesh file format: lines, Unicode whitespace, header,
    point lines, error order, trimming of closed rings, size limits
    (`Mesh<P>::parse`, with the coordinate reader and the coincidence test
    supplied by the caller) and the error messages;
  * `boundary` - ghost-cell index rules (wall mirror, periodic cut);
  * `gradient` - the gradient record and its first ghost layer;
  * `geometry` - metric layout, circumferential wrap-around, wall-distance
    search window;
  * `threads` - the thread-count heuristic.
* `app/` is the program around it: configuration, floating-point kernels
  (geometry metrics, convection, Green-Gauss gradients, viscous terms, JST
  dissipation, S-A source, time step), the Runge-Kutta driver and the command
  line.
* `tests/` exercise the library on concrete values.
