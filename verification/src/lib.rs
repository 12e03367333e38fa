//! Voronoi diagrams by Fortune's sweep, as a doubly connected edge list
//! clipped to a rectangle.
//!
//! Coordinates are IEEE-754 doubles carried as their bit patterns. The
//! library stores, compares and orders them, and leaves every arithmetic
//! operation on them to a numeric kernel that the caller supplies.

pub mod beachline;
pub mod dcel;
pub mod event;
pub mod kernel;
pub mod point;
pub mod voronoi;
