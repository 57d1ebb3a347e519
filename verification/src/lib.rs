//! Exact continuous-time simulation of rain water accumulating over a
//! one-dimensional terrain profile of adjacent vertical bars.
//!
//! Water falls everywhere at one height-unit per time-unit, drains toward
//! local basins, and equal-height neighbours merge into wider segments,
//! changing the flow topology.  The engine precomputes the timeline of
//! stable configurations ("generations") and answers point-in-time height
//! queries exactly, using rational arithmetic throughout.

pub mod rat;
pub mod direction;
pub mod error;
pub mod parts;
pub mod model;
pub mod laws;
