//! Segmentation of occupancy grids into groups of nearby occupied cells,
//! with the integer parts of bounding-box screening and of the quantized
//! shape-parameter search.

pub mod points;
pub mod grid;
pub mod groups;
pub mod bbox;
pub mod search;
