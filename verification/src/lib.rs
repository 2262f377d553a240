//! Jigsaw-puzzle solving over RGBA rasters.
//!
//! - `raster`: the RGBA image type that everything works on.
//! - `comparing`: edge and whole-piece difference metrics.
//! - `stitching`: joining two images side by side or one below the other.
//! - `piece`, `piece_order`: puzzle pieces and their description, image file
//!   names, the most common piece size, and the ordering of pieces.
//! - `solver`: placing the pieces on the grid laid over the reference image.
//! - `assembly`: stitching the placed pieces into the solved image.
//! - `splitter`: cutting an image into a grid of pieces.
//! - `sums`: finite sums used by the metrics.

pub mod assembly;
pub mod comparing;
pub mod piece;
pub mod piece_order;
pub mod raster;
pub mod solver;
pub mod splitter;
pub mod stitching;
pub mod sums;
