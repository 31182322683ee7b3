//! Raster skeleton tracing: Zhang–Suen thinning of a binary raster, followed by
//! a divide-and-conquer extraction of polylines along the thinned strokes.

pub mod ascii;
pub mod merge;
pub mod polyline;
pub mod raster;
pub mod svg;
pub mod thinning;
pub mod trace;

pub use svg::polylines_to_svg;
pub use thinning::thinning_zs;
pub use trace::trace_skeleton;
