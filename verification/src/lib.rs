//! Scalar multiplication and multi-scalar multiplication of emulated curve points,
//! laid out as a sequence of point operations for a constraint system.
//!
//! The gadget never computes on coordinates. It decides which elementary operations
//! the surrounding layer has to perform, in which order and on which cells, and records
//! them in a [`region::Region`]. What the recorded operations compute is stated over an
//! abstract curve group ([`curve::Curve`]) and proved for every group and every witness.

pub mod bits;
pub mod combination;
pub mod curve;
pub mod ecc;
pub mod error;
pub mod region;
