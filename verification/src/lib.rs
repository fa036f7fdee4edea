//! Conversion of SDF elevation grids (line-oriented text) into the fixed
//! binary BSDF layout: 1,440,000 little-endian 16-bit samples in column-major
//! fill order, followed by a two-word trailer holding the minimum and maximum
//! sample.

pub mod codec;
pub mod convert;
pub mod grid;
pub mod parse;
pub mod paths;
