//! Layer membership for an N×N×N cube puzzle and the pointing/selection
//! decisions made over its cells.

pub mod cube;
pub mod selection;
