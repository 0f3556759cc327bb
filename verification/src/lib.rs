//! The index logic of a faux-bold glyph outline: how a path's verbs split
//! its points into contours, which edges the winding of an outline sums,
//! and the walk that visits the corners of one contour to push its points
//! outward. The floating-point geometry that goes with each of these lives
//! with the renderer; what is here decides which points and which edges it
//! works on.

pub mod contour;
pub mod walk;
pub mod winding;
