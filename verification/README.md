# fluid_sim

The integer core of a PIC/FLIP fluid simulation on a staggered (MAC) grid,
in 2D and 3D, written in Verus with its behaviour stated in contracts and
proved.

- `src/grid.rs` — row-major flat layout of 2D and 3D arrays, with lemmas
  that it is a bijection onto `0..len`.
- `src/sim2d.rs` — grid size, cell codes (fluid, air, solid) and painted
  walls of the 2D simulation: classification, wall painting, the faces a
  solid boundary closes, the pressure stencil, and the faces a particle
  deposits on or samples from.
- `src/sim3d.rs` — the same for the 3D simulation.
- `src/jitter.rs` — the linear congruential generator used for jitter, the
  seeds it starts from, and the lattice slots new particles fill.
- `src/buckets.rs` — clipped neighbourhood windows and the spatial hash used
  to separate particles that come too close.
- `app/` — the floating-point simulation state and arithmetic, exported to
  JavaScript with wasm-bindgen, built on the library.
