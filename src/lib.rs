//! Rectangular arrays over flat storage: shapes, indices, the odometer
//! enumeration of a shape's indices, element addressing, and the greyscale
//! patterns and rasters built on them.

pub mod mat;
pub mod sink;
pub mod src;
