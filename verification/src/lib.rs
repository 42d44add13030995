//! Content-based matching of recognized document text.
//!
//! The library turns recognized text into a compact fingerprint (a sequence
//! of small symbol codes plus the retained source lines) and locates
//! near-duplicates by sliding a window of the reference fingerprint across
//! each candidate fingerprint under edit distance.

pub mod distance;
pub mod textops;
pub mod fingerprint;
pub mod normalize;
pub mod scan;
