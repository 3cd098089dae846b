//! Stroke alignment for path outlines: the discrete decisions behind
//! inside / center / outside strokes, independent caps, dash caps and
//! dashed aligned strokes, each stated as a contract and proved.
//!
//! Geometry (offsetting, intersection search, winding probes) works on
//! floating-point coordinates and stays with the caller; everything here
//! takes what that geometry decided as plain values and returns the
//! structural answer: which side a band goes on, how a path is cut into
//! subpaths, how a self-intersecting subpath decomposes into lobes, which
//! cap an edge wears, and how a dash pattern repeats.
//!
//! Conventions: Y-down coordinates; the unit normal `t.turn_90()` points to
//! the right of travel; a positive-area (clockwise) contour has its interior
//! on the right.

pub mod style;
pub mod orient;
pub mod lobes;
pub mod path;
pub mod join;
pub mod dash;
pub mod plan;
pub mod stitch;

pub use style::{Cap, Join, StrokeAlignment, StrokeSide};
