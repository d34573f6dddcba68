//! Neighbor-dilation inpainting for RGBA rasters.
//!
//! Transparent pixels (alpha below the maximum) are filled by averaging the
//! color of their fully opaque neighbors, growing the opaque region inward
//! from its boundary until no transparent pixel has enough opaque neighbors
//! left to fill.

pub mod codec;
pub mod commit;
pub mod fill;
pub mod image;
pub mod scan;
