//! A verified two-strip color pipeline: a deterministic, pixel-local color
//! transform simulating a historical two-color photographic process, and the
//! dispatch engine that fans the per-pixel work out as independent jobs and
//! reassembles the delivered results into a complete output raster.
//!
//! The transform ([`color`]) is proved total and exact against its
//! rational-arithmetic specification.  The engine ([`engine`]) is proved to
//! preserve dimensions, to cover every coordinate exactly once, and to
//! produce the same raster for every delivery order of the results, so a
//! worker pool of any size agrees with the sequential reference.

pub mod color;
pub mod engine;
pub mod raster;
