//! Rendering a raster image as a grid of text glyphs: the image is cut into
//! regions, and each region is matched to the glyph whose inked shape is most
//! similar to it.

pub mod image_utils;
pub mod matcher;
pub mod points;
pub mod similarity;
pub mod text;
pub mod traits;
pub mod visualize;
