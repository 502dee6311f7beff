//! Verified core of an image-processing and feature-extraction library:
//! bit-packed BRIEF descriptors, FAST corner detection on integer images,
//! edge-replicating padding, box filtering through an integral image,
//! non-maximum suppression and the RANSAC driver loop.
pub mod bits;
pub mod circle;
pub mod descriptors;
pub mod fast;
pub mod feat;
pub mod filter;
pub mod image;
pub mod json_writer;
pub mod matching;
pub mod ransac;
pub mod raster;
pub mod sfm;
pub mod slam;
pub mod suppress;
