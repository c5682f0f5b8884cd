//! Core of a shuffle-puzzle generator: parameter resolution under range
//! constraints, tile-grid geometry, in-place tile swap and rotation on an
//! RGB raster, a shuffler that keeps the anchor tile upright, and the
//! metadata-annotated raw-RGB container format.

pub mod codec;
pub mod laws;
pub mod params;
pub mod puzzle;
pub mod raster;
