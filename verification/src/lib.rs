//! Integer core of a PIC/FLIP fluid simulation on a staggered (MAC) grid.
//!
//! The library owns everything in the simulation that is decided on
//! integers: the flat layout of cell and face arrays, cell classification
//! (fluid, air, solid), wall painting, which faces a solid boundary closes,
//! which faces a particle deposits on or samples from, the pseudo-random
//! jitter sequence, and the spatial hash that finds neighbouring particles.
//! The floating-point arithmetic on velocities and positions is left to the
//! caller.

pub mod grid;
pub mod sim2d;
pub mod sim3d;
pub mod jitter;
pub mod buckets;
