//! Conversion between interleaved 8-bit RGBA pixel buffers and the planar
//! channel layout that an inference engine consumes: aspect-preserving
//! dimension scaling, nearest-neighbour resampling into channels-first planes,
//! and the inverse gather from a planar or interleaved tensor back to RGBA.

pub mod dims;
pub mod error;
pub mod laws;
pub mod postprocess;
pub mod preprocess;
pub mod rgba;
