//! Overlapping-tile wavefunction-collapse image synthesis.
//!
//! Given a small source raster and an odd tile size, the library extracts
//! every local patch of the source, learns which patches may sit next to
//! each other, and synthesizes a larger raster in which every local patch
//! occurs in the source. The solver repeatedly observes the cell of least
//! entropy and propagates the consequences; when propagation empties a
//! cell, the whole grid restarts with a wider propagation radius.

pub mod args;
pub mod bitmap;
pub mod image_impls;
pub mod entropy;
pub mod grid;
pub mod render;
pub mod rng;
pub mod session;
pub mod sortedvec;
pub mod sums;
pub mod tile;
