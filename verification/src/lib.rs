//! Spatial indexing for a particle simulation on a cubic grid.
//!
//! Particles are bucketed by the grid cell they occupy, so that the
//! particles close to a point are found by looking at the twenty-seven
//! cells around it instead of at the whole population.
//!
//! - [`cell`]: grid cells and the block of cells around a cell.
//! - [`bucket`]: the hash that sends a cell to a bucket.
//! - [`grouping`]: the counting sort that lays items out by key.
//! - [`grid`]: the index itself, and the search around a cell.
//! - [`attraction`]: where the coefficient of a pair of particle types
//!   stands in the flat table of coefficients.
//! - [`tick`]: the checks that a step passes before anything moves.
//! - [`upload`]: which storage buffers a frame writes and which it renews.

pub mod attraction;
pub mod bucket;
pub mod cell;
pub mod grid;
pub mod grouping;
pub mod tick;
pub mod upload;
