//! Median-cut color quantization.
//!
//! The crate reduces the set of RGB colors of an image to a bounded palette
//! of at most `k_max` representative colors, and can remap every pixel of a
//! pixel buffer to its nearest palette entry (squared Euclidean RGB distance).

pub mod boxes;
pub mod color;
pub mod histogram;
pub mod quantizer;
pub mod sorting;

pub use color::ColorNode;
pub use histogram::ColorHistogram;
pub use quantizer::MMCQ;
