//! Perceptual fingerprints of raster images, and the grouping of files whose
//! fingerprints are equal.

pub mod accepted;
pub mod collector;
pub mod fingerprint;
pub mod grouping;
pub mod raster;
pub mod resample;
pub mod table;
