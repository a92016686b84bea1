//! The geodesy algorithms that work on exact coordinates.

pub mod region;
