//! Extraction of regions of interest from a still image.
//!
//! The pipeline runs in four stages: edge detection turns a luminance grid
//! into a binary edge map, the heat-map builder condenses the edge map into a
//! coarse density grid, a cellular automaton relaxes that grid until every
//! cell is fully dead or fully alive, and a flood fill gathers the surviving
//! cells into connected visual objects, each with a bounding box that can be
//! cut back out of the original picture.

pub mod point;
pub mod helpers;
pub mod grid;
pub mod config;
pub mod error;
pub mod edges;
pub mod heat;
pub mod automaton;
pub mod visual_object;
pub mod extract;
pub mod file;
pub mod cut;
pub mod pipeline;

pub use point::Point;
