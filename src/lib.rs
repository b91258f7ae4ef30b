//! Verified building blocks of a bistatic SAR geometry tool:
//! - a marching-squares tracer that extracts iso-value contours from a sampled
//!   scalar field, and the proof that contours of a framed field always close;
//! - the thresholds of a contour family;
//! - the selection of the footprint edges crossed by a carrier's ground track;
//! - the choice of resolution plane that drives the automatic integration time.
pub mod closed;
pub mod contour;
pub mod footprint;
pub mod levels;
pub mod scene;
pub mod segments;
