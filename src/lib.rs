//! Hierarchical color clustering of raster images.
//!
//! An image is partitioned into connected regions of similar color; regions
//! whose geometry and color contrast suggest hidden structure are split again,
//! and enclosed regions are flagged hollow. Construction runs in bounded steps.

pub mod color;
pub mod image;
pub mod grid;
pub mod region;
pub mod clusters;
pub mod builder;
pub mod runner;
