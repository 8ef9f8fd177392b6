//! Conversion of ASCII grid elevation rasters into normalised 8-bit
//! grayscale rasters.
//!
//! A raster file is text: six header lines, then one line for each row of
//! the grid. [`pipeline::load_and_normalize`] turns such a text into a
//! [`normalize::GrayscaleRaster`] in four steps, each of which can be called
//! by itself:
//!
//! 1. [`header::parse_header`] reads the six header lines;
//! 2. [`grid::parse_grid`] reads the rows that follow them;
//! 3. [`range::compute_range`] finds the least and the greatest value among
//!    the cells that hold data;
//! 4. [`normalize::normalize`] maps each cell to its intensity.
//!
//! Numbers are kept as exact decimals ([`decimal::Decimal`]), so the pixels
//! of a raster are the same on every machine. [`render::to_image`] copies a
//! raster into an image buffer of the `image` crate.

pub mod decimal;
pub mod discovery;
pub mod error;
pub mod grid;
pub mod header;
pub mod literal;
pub mod normalize;
pub mod pipeline;
pub mod range;
pub mod render;
pub mod text;
