//! Verified core of a D2Q9 lattice-Boltzmann fluid simulation: the grid
//! geometry, the barrier mask, the streaming and bounce-back steps and the
//! bookkeeping of a simulation run. The cell values are generic, so the
//! floating-point collision arithmetic lives with the caller.

pub mod grid;
pub mod barrier;
pub mod stream;
pub mod lattice;
pub mod bounce;

