//! Core of REST (REference-based Similar Trajectory compression): a lossy
//! compressor that represents a trajectory as pointers into subsequences of a
//! reference set plus short raw point runs, with the reconstruction error
//! bounded under a max-aggregated dynamic time warping distance.
//!
//! Geographic points are integer-coded (microdegrees); pointwise great-circle
//! distances enter the core as integer micrometer values supplied by the
//! caller, so every comparison against the error bound is exact integer
//! arithmetic.

pub mod algorithm;
pub mod max_dtw;
pub mod rest;
pub mod spatial_filter;
