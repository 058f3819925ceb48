//! Color quantization by k-means clustering over small integer vectors.
pub mod distance;
pub mod geometry;
pub mod kmeans;
pub mod quantize;
pub mod types;
pub mod utils;
