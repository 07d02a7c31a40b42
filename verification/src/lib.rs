//! Extraction of horizontal text-line row ranges from a scanned image.
//!
//! The pipeline reduces a rectangular pixel grid to a per-row brightness
//! profile, smooths it with a caller-supplied convolution kernel, splits it
//! into "text" and "background" rows at a percentile-based cutoff, detects
//! contiguous text blocks, and pads each block into a crop interval using the
//! neighbouring background gaps.
//!
//! All arithmetic is exact: brightness values are integer row sums, and the
//! fractional parameters (percentile cutoff, padding fractions) are rationals.
//! Decoding and encoding images, rendering diagnostics, and turning
//! floating-point command-line options into rationals and fixed-point kernel
//! weights are left to the (unverified) caller.

pub mod errors;
pub mod frac;
pub mod profile;
pub mod smooth;
pub mod threshold;
pub mod blocks;
pub mod expand;
pub mod pipeline;
