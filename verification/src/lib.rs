//! Discrete 2D electrostatic field simulation.
//!
//! A coarse grid of signed point charges induces a finer grid of cached
//! field samples (force vector and potential per subcell), kept up to date
//! incrementally from a log of charge edits.  Field-line polylines are
//! traced through the cached samples for visualization overlays.
//!
//! All arithmetic is exact fixed-point integer arithmetic, so the cached
//! field is provably the superposition of the individual charge
//! contributions at all times.

pub mod math;
pub mod field;
pub mod world;
pub mod solve;
pub mod borders;
pub mod trace;
