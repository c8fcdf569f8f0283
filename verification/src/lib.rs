//! Density-based rendering of large tabular point datasets.
//!
//! All numeric quantities are fixed-point integers: an `i64` holds a value in
//! micro-units, so `1_000_000` stands for `1.0`. The crate bins transformed
//! (x, y) coordinates of table rows into a grid, splats each point with a
//! configurable kernel, post-processes and colorizes the grid, and exposes an
//! inverse pixel-to-row mapping for interactive inspection.

pub mod bitset;
pub mod column_filter;
pub mod fixed;
pub mod highlight;
pub mod measures;
pub mod mesh;
pub mod pipeline;
pub mod pointdata;
pub mod text;
pub mod transform;
