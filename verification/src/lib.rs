//! Geodetic coordinate handling: a multi-format coordinate string parser with
//! a canonical exact numeric model, degree/minute/second decompositions, and
//! ray-casting polygon containment.
//!
//! Angles are held exactly, as an integer count of units on a decimal scale,
//! so every contract in this crate speaks about true rational values rather
//! than floating-point approximations.

pub mod algorithm;
pub mod angle;
pub mod coordinate;
pub mod grammar;
pub mod rational;

pub use angle::Angle;
pub use coordinate::Coordinate;
pub use rational::Rat;
