//! Builds a binary integer-programming model from a problem of nodes with alternative
//! strategies, timed resource usage and pairwise strategy costs, and writes it in the
//! fixed-column MPS exchange format.

pub mod enumerate;
pub mod model;
pub mod mps;
pub mod problem;
pub mod sweep;
pub mod text;
