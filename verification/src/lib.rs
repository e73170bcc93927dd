//! Converts a raster image into a grid of block tiles chosen from a fixed
//! palette of square textures, and encodes the chosen grid as a bit-packed,
//! palette-indexed structure document.
//!
//! The two verified cores are the quantization-and-dithering engine
//! (`engine`), which picks for every output cell the catalog variant closest
//! to the corresponding source region under a perceptual color metric and
//! diffuses the quantization error to later cells, and the structure
//! serializer (`document`, `packing`), which encodes the chosen grid as a
//! palette plus a bit-packed index array.

pub mod blocks;
pub mod color;
pub mod distance;
pub mod engine;
pub mod errors;
pub mod filter;
pub mod kernel;
pub mod grid;
pub mod packing;
pub mod variant;
pub mod document;
