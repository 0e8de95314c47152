//! Rate-distortion block-partitioning engine with an adaptive binary range
//! coder: regions of a frame plane are recursively split or coded whole,
//! scored by distortion plus lambda-weighted estimated bit rate, and the
//! finalized partition tree is committed to bytes by the entropy coder.

pub mod ec;
pub mod encoder;
pub mod frame;
pub mod hash;
pub mod partition;
pub mod rdo;
pub mod tiling;
pub mod transform;
pub mod version;
