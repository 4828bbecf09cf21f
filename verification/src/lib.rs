//! Verified kernels for two geospatial computations over rasters and point
//! clouds: flow-path accumulation over a direction-coded backlink grid, and
//! the data-preparation, indexing, partitioning and assembly phases of a
//! parallel inverse-distance-weighted (IDW) point interpolator.
//!
//! Cell values and point scalars are modelled as fixed-point integers chosen
//! by the caller; a cell holds `None` where the raster holds its nodata
//! sentinel.

pub mod assemble;
pub mod direction;
pub mod flow;
pub mod grid;
pub mod idw;
pub mod partition;
pub mod points;
pub mod spatial;
pub mod workers;

pub use direction::Direction;
pub use grid::Grid;
